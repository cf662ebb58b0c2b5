use boon::json::{duplicates, equals, JsonNumber, JsonValue};
use boon::util::{escape, quote, split, starts_with_windows_drive, unescape, Fragment, JsonPointer};

fn number(n: &serde_json::Number) -> JsonNumber {
    let f = n.as_f64().unwrap_or(0.0);
    let g = if f == 0.0 { 0.0 } else { f };
    let bits = g.to_bits();
    let order_key = if bits >> 63 == 1 { !bits } else { bits | (1u64 << 63) };
    JsonNumber {
        text: n.to_string(),
        as_u64: n.as_u64(),
        as_i64: n.as_i64(),
        order_key,
        float_is_integer: f.fract() == 0.0,
        float_as_usize: if f.is_sign_positive() && f.fract() == 0.0 { Some(f as usize) } else { None },
    }
}

fn value(v: &serde_json::Value) -> JsonValue {
    match v {
        serde_json::Value::Null => JsonValue::Null,
        serde_json::Value::Bool(b) => JsonValue::Bool(*b),
        serde_json::Value::Number(n) => JsonValue::Number(number(n)),
        serde_json::Value::String(s) => JsonValue::String(s.clone()),
        serde_json::Value::Array(a) => JsonValue::Array(a.iter().map(value).collect()),
        serde_json::Value::Object(o) => {
            JsonValue::Object(o.iter().map(|(k, v)| (k.clone(), value(v))).collect())
        }
    }
}

fn parse(text: &str) -> JsonValue {
    let v: serde_json::Value = serde_json::from_str(text).unwrap();
    value(&v)
}

#[test]
fn test_quote() {
    assert_eq!(quote(r#"abc"def'ghi"#), r#"'abc"def\'ghi'"#);
}

#[test]
fn test_fragment_split() {
    let tests = [
        ("#", Fragment::JsonPointer(JsonPointer("".into()))),
        ("#/a/b", Fragment::JsonPointer(JsonPointer("/a/b".into()))),
        ("#abcd", Fragment::Anchor("abcd".into())),
        ("#%61%62%63%64", Fragment::Anchor("abcd".into())),
        ("#%2F%61%62%63%64%2fef", Fragment::JsonPointer(JsonPointer("/abcd/ef".into()))),
        ("#abcd+ef", Fragment::Anchor("abcd+ef".into())),
    ];
    for test in tests {
        let (_, got) = Fragment::split(test.0).unwrap();
        assert_eq!(got, test.1, "Fragment::split({:?})", test.0);
    }
}

#[test]
fn test_unescape() {
    let tests = [
        ("bar~0", Some("bar~")),
        ("bar~1", Some("bar/")),
        ("bar~01", Some("bar~1")),
        ("bar~", None),
        ("bar~~", None),
    ];
    for (tok, want) in tests {
        let res = JsonPointer::unescape(tok).ok();
        let got = res.as_ref().map(|c| c.as_str());
        assert_eq!(got, want, "unescape({:?})", tok)
    }
}

#[test]
fn test_equals() {
    let tests = [["1.0", "1"], ["-1.0", "-1"]];
    for [a, b] in tests {
        let a = parse(a);
        let b = parse(b);
        assert!(equals(&a, &b));
    }
}

#[test]
fn equals_compares_objects_regardless_of_order() {
    let a = parse(r#"{"a": 1, "b": [true, null, "x"]}"#);
    let b = JsonValue::Object(vec![
        ("b".to_string(), parse(r#"[true, null, "x"]"#)),
        ("a".to_string(), parse("1.0")),
    ]);
    assert!(equals(&a, &b));
    assert!(equals(&a, &a));
    let c = parse(r#"{"a": 1, "b": [true, null, "y"]}"#);
    assert!(!equals(&a, &c));
    assert!(!equals(&parse("[1, 2]"), &parse("[2, 1]")));
    assert!(!equals(&parse("\"1\""), &parse("1")));
    assert!(!equals(&parse("0.5"), &parse("1")));
}

#[test]
fn escape_then_unescape_gives_back_the_token() {
    for tok in ["", "a", "a/b", "a~b", "~/~/", "/~0~1"] {
        let e = escape(tok);
        assert!(!e.contains('/'));
        assert_eq!(unescape(&e).unwrap(), tok);
    }
    assert_eq!(escape("a/b~c"), "a~1b~0c");
    assert_eq!(JsonPointer::escape("~1"), "~01");
}

#[test]
fn json_pointer_building() {
    let p = JsonPointer("/a".to_string());
    assert_eq!(p.append("b/c").as_str(), "/a/b~1c");
    assert_eq!(p.append2("x", "y~").as_str(), "/a/x/y~0");
    assert_eq!(p.concat(&JsonPointer("/z".to_string())).as_str(), "/a/z");
    assert!(JsonPointer(String::new()).is_empty());
    assert!(!p.is_empty());
}

#[test]
fn split_cuts_at_first_hash() {
    assert_eq!(split("http://a.com/x#/a#b"), ("http://a.com/x".to_string(), "/a#b".to_string()));
    assert_eq!(split("http://a.com/x"), ("http://a.com/x".to_string(), String::new()));
    assert_eq!(split("#"), (String::new(), String::new()));
}

#[test]
fn fragment_split_rejects_bad_encoding() {
    assert!(Fragment::split("a.json#%ff").is_err());
    let (u, f) = Fragment::split("a.json#x").unwrap();
    assert_eq!(u, "a.json");
    assert_eq!(f, Fragment::Anchor("x".to_string()));
}

#[test]
fn fragment_encode() {
    assert_eq!(Fragment::encode("/a b"), "/a%20b");
    assert_eq!(Fragment::encode("/é"), "/%C3%A9");
    assert_eq!(Fragment::encode("/a%"), "/a%25");
    assert_eq!(Fragment::encode("/$defs/x"), "/$defs/x");
}

#[test]
fn windows_drive() {
    assert!(starts_with_windows_drive("C:\\a"));
    assert!(!starts_with_windows_drive("c:\\a"));
    assert!(!starts_with_windows_drive("C:/a"));
    assert!(!starts_with_windows_drive("c:a"));
    assert!(!starts_with_windows_drive("1:\\a"));
    assert!(!starts_with_windows_drive("c"));
}

#[test]
fn duplicates_finds_equal_items() {
    let a = match parse("[1, 2, 3, 2.0]") {
        JsonValue::Array(a) => a,
        _ => unreachable!(),
    };
    assert_eq!(duplicates(&a), Some((1, 3)));
    let b = match parse("[1, 2, 3]") {
        JsonValue::Array(a) => a,
        _ => unreachable!(),
    };
    assert_eq!(duplicates(&b), None);
    let mut long: Vec<serde_json::Value> = (0..30).map(serde_json::Value::from).collect();
    long.push(serde_json::Value::from(7));
    let c = match value(&serde_json::Value::Array(long)) {
        JsonValue::Array(a) => a,
        _ => unreachable!(),
    };
    assert_eq!(duplicates(&c), Some((7, 30)));
}
