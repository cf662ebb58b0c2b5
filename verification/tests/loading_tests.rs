use boon::draft::Draft;
use boon::errors::CompileError;
use boon::json::JsonValue;
use boon::loading::{draft_step, meta_vocab_url, DraftStep};
use boon::root::Root;

fn with_schema(url: &str) -> JsonValue {
    JsonValue::Object(vec![("$schema".to_string(), JsonValue::String(url.to_string()))])
}

#[test]
fn draft_step_without_schema_gives_default() {
    let doc = JsonValue::Object(vec![]);
    let r = draft_step("http://a.com/s.json", "", &doc, Draft::V7, &vec![]);
    assert!(matches!(r, Ok(DraftStep::Found(Draft::V7))));
}

#[test]
fn draft_step_standard_metaschema() {
    let doc = with_schema("https://json-schema.org/draft/2019-09/schema");
    let r = draft_step("http://a.com/s.json", "", &doc, Draft::V7, &vec![]);
    assert!(matches!(r, Ok(DraftStep::Found(Draft::V2019_09))));
    let doc = with_schema("http://json-schema.org/draft-04/schema#");
    let r = draft_step("http://a.com/s.json", "", &doc, Draft::V7, &vec![]);
    assert!(matches!(r, Ok(DraftStep::Found(Draft::V4))));
}

#[test]
fn draft_step_follows_custom_metaschema() {
    let doc = with_schema("http://a.com/meta.json#");
    match draft_step("http://a.com/s.json", "", &doc, Draft::V7, &vec![]) {
        Ok(DraftStep::Follow(u)) => assert_eq!(u, "http://a.com/meta.json"),
        _ => panic!("want follow"),
    }
}

#[test]
fn draft_step_detects_metaschema_cycle() {
    let doc = with_schema("http://a.com/meta.json");
    let seen = vec!["http://a.com/other.json".to_string(), "http://a.com/meta.json".to_string()];
    match draft_step("http://a.com/s.json", "", &doc, Draft::V7, &seen) {
        Err(CompileError::MetaSchemaCycle { url }) => assert_eq!(url, "http://a.com/meta.json"),
        _ => panic!("want cycle"),
    }
}

#[test]
fn draft_step_self_metaschema_is_unsupported() {
    let doc = with_schema("http://a.com/meta.json");
    match draft_step("http://a.com/meta.json", "", &doc, Draft::V7, &vec![]) {
        Err(CompileError::UnsupportedDraft { url }) => assert_eq!(url, "http://a.com/meta.json"),
        _ => panic!("want unsupported draft"),
    }
}

#[test]
fn draft_step_invalid_metaschema_url() {
    let doc = with_schema("relative/meta.json");
    match draft_step("http://a.com/s.json", "/a b", &doc, Draft::V7, &vec![]) {
        Err(CompileError::InvalidMetaSchemaUrl { url, .. }) => assert_eq!(url, "http://a.com/s.json#/a%20b"),
        _ => panic!("want invalid metaschema url"),
    }
}

#[test]
fn meta_vocab_url_cases() {
    assert!(matches!(meta_vocab_url(&JsonValue::Object(vec![])), Ok(None)));
    let doc = with_schema("https://json-schema.org/draft/2020-12/schema");
    assert!(matches!(meta_vocab_url(&doc), Ok(None)));
    let doc = with_schema("http://a.com/meta.json#frag");
    match meta_vocab_url(&doc) {
        Ok(Some(u)) => assert_eq!(u, "http://a.com/meta.json"),
        _ => panic!("want url"),
    }
    let doc = with_schema("not a url");
    assert!(matches!(meta_vocab_url(&doc), Err(CompileError::ParseUrlError { .. })));
}

#[test]
fn root_new_collects_the_root_resource() {
    let doc = JsonValue::Object(vec![("$id".to_string(), JsonValue::String("http://b.com/x.json".to_string()))]);
    let root = Root::new("http://a.com/s.json".to_string(), doc, Draft::V2020_12, None).unwrap();
    assert_eq!(root.url, "http://a.com/s.json");
    let top = root.resources.iter().find(|r| r.ptr.0.is_empty()).unwrap();
    assert_eq!(top.id, "http://b.com/x.json");
}
