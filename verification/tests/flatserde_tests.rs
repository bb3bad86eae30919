use bda::flatserde::{FlatJsonFieldIterator, FlatJsonValueIterator};
use bda::json::Json;
use bda::number::Rational;

fn json_of(v: &serde_json::Value) -> Json {
    match v {
        serde_json::Value::Null => Json::Null,
        serde_json::Value::Bool(b) => Json::Bool(*b),
        serde_json::Value::Number(n) => Json::Number(Rational::parse(&n.to_string()).unwrap(), n.is_i64() || n.is_u64()),
        serde_json::Value::String(s) => Json::String(s.clone()),
        serde_json::Value::Array(a) => Json::Array(a.iter().map(json_of).collect()),
        serde_json::Value::Object(m) => Json::Object(m.iter().map(|(k, v)| (k.clone(), json_of(v))).collect()),
    }
}

fn document() -> Json {
    let text = r#"
        {
            "keya":"vala",
            "keyb":
                [
                    "valb1",
                    "valb2",
                    "valb3"
                ],
            "keyc":
                {
                    "keyca": 1,
                    "keycb": ["a","b"],
                    "keycc": 2,
                    "keycd": ["c","d"]
                }
        }"#;
    json_of(&serde_json::from_str(text).unwrap())
}

fn text(s: &str) -> Json {
    Json::String(s.to_owned())
}

fn number(n: i64) -> Json {
    Json::Number(Rational::from_i64(n), true)
}

#[test]
fn test_value_iterator() {
    let v = document();
    let mut iter = FlatJsonValueIterator::new(&v);
    assert_eq!(iter.next(), Some((".keya".to_string(), text("vala"))));
    assert_eq!(iter.next(), Some((".keyb".to_string(), text("valb1"))));
    assert_eq!(iter.next(), Some((".keyb".to_string(), text("valb2"))));
    assert_eq!(iter.next(), Some((".keyb".to_string(), text("valb3"))));
    assert_eq!(iter.next(), Some((".keyc.keyca".to_string(), number(1))));
    assert_eq!(iter.next(), Some((".keyc.keycc".to_string(), number(2))));
    assert_eq!(iter.next(), Some((".keyc.keycb".to_string(), text("a"))));
    assert_eq!(iter.next(), Some((".keyc.keycb".to_string(), text("b"))));
    assert_eq!(iter.next(), Some((".keyc.keycd".to_string(), text("c"))));
    assert_eq!(iter.next(), Some((".keyc.keycd".to_string(), text("d"))));
    assert_eq!(iter.next(), None);
}

#[test]
fn test_field_iterator() {
    let v = document();
    let mut iter = FlatJsonFieldIterator::new(&v);
    assert_eq!(iter.next(), Some(".".to_string()));
    assert_eq!(iter.next(), Some(".keya".to_string()));
    assert_eq!(iter.next(), Some(".keyb".to_string()));
    assert_eq!(iter.next(), Some(".keyc".to_string()));
    assert_eq!(iter.next(), Some(".keyc.keyca".to_string()));
    assert_eq!(iter.next(), Some(".keyc.keycb".to_string()));
    assert_eq!(iter.next(), Some(".keyc.keycc".to_string()));
    assert_eq!(iter.next(), Some(".keyc.keycd".to_string()));
}

#[test]
fn scalar_document_has_root_value() {
    let mut iter = FlatJsonValueIterator::new(&Json::Bool(true));
    assert_eq!(iter.next(), Some((".".to_string(), Json::Bool(true))));
    assert_eq!(iter.next(), None);
}
