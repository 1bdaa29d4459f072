use rcore::filter::{effective_meta, MetaFilter};
use rcore::json::{json_eq, Json, JsonMap};

fn conv(v: &serde_json::Value) -> Json {
    match v {
        serde_json::Value::Null => Json::Null,
        serde_json::Value::Bool(b) => Json::Bool(*b),
        serde_json::Value::Number(n) => {
            if let Some(u) = n.as_u64() {
                Json::PosInt(u)
            } else if let Some(i) = n.as_i64() {
                Json::NegInt(i)
            } else {
                let f = n.as_f64().unwrap_or(0.0);
                Json::Float(if f == 0.0 { 0.0f64.to_bits() } else { f.to_bits() })
            }
        }
        serde_json::Value::String(s) => Json::Str(s.clone()),
        serde_json::Value::Array(a) => Json::Array(a.iter().map(conv).collect()),
        serde_json::Value::Object(o) => {
            let mut m = JsonMap::new();
            for (k, x) in o {
                m.insert(k.clone(), conv(x));
            }
            Json::Object(m)
        }
    }
}

fn js(s: &str) -> Json {
    conv(&serde_json::from_str::<serde_json::Value>(s).expect("test JSON parses"))
}

fn text_of(j: &Json, key: &str) -> String {
    j.get(key).and_then(|v| v.as_str()).cloned().unwrap_or_default()
}

#[test]
fn empty_filter_matches_everything() {
    let f = MetaFilter::parse(&js("{}"));
    assert!(f.is_empty());
    assert!(f.matches(&js(r#"{"anything": "goes"}"#)));
}

#[test]
fn effective_meta_segment_overrides_document() {
    let doc = js(r#"{"kind": "manual", "lang": "en"}"#);
    let seg = js(r#"{"lang": "ru", "section": "intro"}"#);
    let eff = effective_meta(&doc, &seg);
    assert_eq!(text_of(&eff, "kind"), "manual");
    assert_eq!(text_of(&eff, "lang"), "ru");
    assert_eq!(text_of(&eff, "section"), "intro");
}

#[test]
fn all_is_and() {
    let f = MetaFilter::parse(&js(r#"{"filter": {"all": {"kind": "manual", "lang": "en"}}}"#));
    assert!(f.matches(&js(r#"{"kind": "manual", "lang": "en"}"#)));
    assert!(!f.matches(&js(r#"{"kind": "manual"}"#)));
    assert!(!f.matches(&js(r#"{"kind": "manual", "lang": "ru"}"#)));
}

#[test]
fn any_is_or() {
    let f = MetaFilter::parse(&js(r#"{"filter": {"any": {"status": "draft", "kind": "note"}}}"#));
    assert!(f.matches(&js(r#"{"status": "draft"}"#)));
    assert!(f.matches(&js(r#"{"kind": "note"}"#)));
    assert!(!f.matches(&js(r#"{"status": "published", "kind": "manual"}"#)));
}

#[test]
fn combined_all_and_any() {
    let f = MetaFilter::parse(&js(
        r#"{"filter": {"all": {"lang": "en"}, "any": {"status": ["draft", "review"]}}}"#,
    ));
    assert!(f.matches(&js(r#"{"lang": "en", "status": "review"}"#)));
    assert!(!f.matches(&js(r#"{"lang": "ru", "status": "draft"}"#)));
    assert!(!f.matches(&js(r#"{"lang": "en", "status": "published"}"#)));
}

#[test]
fn array_constraint_is_one_of() {
    let f = MetaFilter::parse(&js(r#"{"filter": {"all": {"kind": ["manual", "guide"]}}}"#));
    assert!(f.matches(&js(r#"{"kind": "guide"}"#)));
    assert!(!f.matches(&js(r#"{"kind": "note"}"#)));
}

#[test]
fn array_meta_value_membership() {
    let f = MetaFilter::parse(&js(r#"{"filter": {"all": {"role": "admin"}}}"#));
    assert!(f.matches(&js(r#"{"role": ["user", "admin"]}"#)));
    assert!(!f.matches(&js(r#"{"role": ["user", "guest"]}"#)));
}

#[test]
fn tags_all_and_any() {
    let f = MetaFilter::parse(&js(
        r#"{"filter": {"tags_all": ["db", "security"], "tags_any": ["draft", "wip"]}}"#,
    ));
    assert!(f.matches(&js(r#"{"tags": ["db", "security", "wip", "extra"]}"#)));
    assert!(!f.matches(&js(r#"{"tags": ["db", "wip"]}"#)));
    assert!(!f.matches(&js(r#"{"tags": ["db", "security"]}"#)));
    assert!(!f.matches(&js(r#"{}"#)));
}

#[test]
fn matches_doc_seg_uses_effective() {
    let f = MetaFilter::parse(&js(r#"{"filter": {"all": {"lang": "ru"}}}"#));
    assert!(f.matches_doc_seg(&js(r#"{"lang": "en"}"#), &js(r#"{"lang": "ru"}"#)));
    assert!(!f.matches_doc_seg(&js(r#"{"lang": "en"}"#), &js(r#"{}"#)));
}

#[test]
fn default_filter_is_empty_and_admits_anything() {
    let f = MetaFilter::default();
    assert!(f.is_empty());
    assert!(f.matches(&js(r#"{}"#)));
    assert!(f.matches_doc_seg(&js(r#"{"a": 1}"#), &js(r#"{"b": [1, 2]}"#)));
}

#[test]
fn non_object_filter_parts_are_ignored() {
    let f = MetaFilter::parse(&js(r#"{"filter": "nonsense"}"#));
    assert!(f.is_empty());
    let g = MetaFilter::parse(&js(r#"{"filter": {"all": {"n": 3}}}"#));
    assert!(!g.is_empty());
    assert!(g.matches(&js(r#"{"n": 3}"#)));
    assert!(!g.matches(&js(r#"{"n": 4}"#)));
    assert!(!g.matches(&js(r#"{"n": "3"}"#)));
}

#[test]
fn effective_meta_of_non_objects_is_empty_object() {
    let eff = effective_meta(&js("null"), &js("[1,2]"));
    assert!(eff.is_object());
    let eff2 = effective_meta(&js(r#"{"a": "x"}"#), &js("7"));
    assert_eq!(text_of(&eff2, "a"), "x");
}

#[test]
fn float_equality_treats_negative_zero_as_zero() {
    let neg = Json::Float((-0.0f64).to_bits());
    let pos = Json::Float(0.0f64.to_bits());
    assert!(json_eq(&neg, &pos));
    assert!(!json_eq(&Json::Float(1.5f64.to_bits()), &Json::Float(2.5f64.to_bits())));
    let mut want = JsonMap::new();
    want.insert("score".to_string(), neg);
    let mut all = JsonMap::new();
    all.insert("all".to_string(), Json::Object(want));
    let mut payload = JsonMap::new();
    payload.insert("filter".to_string(), Json::Object(all));
    let f = MetaFilter::parse(&Json::Object(payload));
    let mut meta = JsonMap::new();
    meta.insert("score".to_string(), pos);
    assert!(f.matches(&Json::Object(meta)));
}
