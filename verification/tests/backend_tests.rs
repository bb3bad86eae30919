use bda::backend::ordered::{KeyBound, LLRBBackend, ValueBound};
use bda::backend::{Batch, BatchOp, IndexKey, IndexValue, KeyScanItem};
use bda::bql::Value;
use bda::json::Json;
use bda::number::Rational;

fn json_of(v: &serde_json::Value) -> Json {
    match v {
        serde_json::Value::Null => Json::Null,
        serde_json::Value::Bool(b) => Json::Bool(*b),
        serde_json::Value::Number(n) => Json::Number(Rational::parse(&n.to_string()).unwrap(), n.is_i64() || n.is_u64()),
        serde_json::Value::String(s) => Json::String(s.clone()),
        serde_json::Value::Array(a) => Json::Array(a.iter().map(json_of).collect()),
        serde_json::Value::Object(m) => Json::Object(m.iter().map(|(k, v)| (k.clone(), json_of(v))).collect()),
    }
}

fn doc(text: &str) -> Json {
    json_of(&serde_json::from_str(text).unwrap())
}

fn deletions(batch: &Batch) -> Batch {
    Batch::from_items(
        batch
            .iter()
            .into_iter()
            .map(|op| {
                if let BatchOp::Add(k, v) = op {
                    BatchOp::Del(k, v)
                } else {
                    panic!("only BatchOp::Add are permitted");
                }
            })
            .collect(),
    )
}

#[test]
fn test_update() {
    //Test BatchOp::Add
    let add_batch_1 = Batch::add_data(
        "id1",
        &doc(r#"{
            "keya":true,
            "keyb":["valb1"],
            "keyc": {
                "keyca": 1,
                "keycb": ["a","b"],
                "keycc": 2, "keycd": ["c","d"]
            }
        }"#),
    )
    .unwrap();
    let add_batch_2 = Batch::add_data(
        "id2",
        &doc(r#"{
            "2keya":true,
            "2keyb":["2valb1"]
        }"#),
    )
    .unwrap();
    let mut backend = LLRBBackend::new();
    assert_eq!(backend.is_empty(), true);
    backend.update(&add_batch_1).unwrap();
    assert_eq!(backend.len(), add_batch_1.len());
    backend.update(&add_batch_2).unwrap();
    assert_eq!(
        backend.len(),
        add_batch_1.len() + add_batch_2.len() - 1 // the field . is common
    );
    //Test BatchOp::Del
    let del_batch_1 = deletions(&add_batch_1);
    let del_batch_2 = deletions(&add_batch_2);
    assert_eq!(
        backend.len(),
        del_batch_1.len() + del_batch_2.len() - 1 // the field . is common
    );
    backend.update(&del_batch_1).unwrap();
    assert_eq!(backend.len(), del_batch_2.len());
    backend.update(&del_batch_2).unwrap();
    assert_eq!(backend.is_empty(), true);
}

#[test]
fn llrb_test_keyscan() {
    //Test keyscan
    let add_batch_1 = Batch::add_data(
        "id1",
        &doc(r#"{
            "keya":true,
            "keyb":["valb1"],
            "keyc": {
                "keyca": 1,
                "keycb": ["a","b"],
                "keycc": 2,
                "keycd": ["c","d"]
            }
        }"#),
    )
    .unwrap();
    let add_batch_2 = Batch::add_data(
        "id2",
        &doc(r#"{
            "keya":true,
            "keyb":["valb1"]
        }"#),
    )
    .unwrap();
    let add_batch_3 = Batch::add_data(
        "id3",
        &doc(r#"{
            "keya":true,
            "keyb":["valb1","valb2"]
        }"#),
    )
    .unwrap();
    let mut backend = LLRBBackend::new();
    backend.update(&add_batch_1).unwrap();
    backend.update(&add_batch_2).unwrap();
    backend.update(&add_batch_3).unwrap();

    let ikey = |k: &str| IndexKey::FieldKey {
        field: k.to_owned(),
    };
    let vkey = |k: &str, v: Value| IndexKey::ValueKey {
        field: k.to_owned(),
        value: v,
    };
    let ival = |v: &str| IndexValue::IDStrValue(v.to_owned());
    let fskey = |k: &str, min: Option<&'static str>, max: Option<&'static str>| KeyScanItem {
        key: ikey(k),
        min: min.map(|v| ival(v)).unwrap(),
        max: max.map(|v| ival(v)).unwrap(),
    };
    let vskey =
        |k: &str, v: Value, min: Option<&'static str>, max: Option<&'static str>| KeyScanItem {
            key: vkey(k, v),
            min: min.map(|v| ival(v)).unwrap(),
            max: max.map(|v| ival(v)).unwrap(),
        };

    //index value scan
    let range = (KeyBound::Included(vkey(".keyb", Value::Bottom)), KeyBound::Excluded(vkey(".keyb", Value::Top)));
    let mut scan = backend.key_scan(&range.0, &range.1).unwrap().into_iter();
    assert_eq!(
        scan.next(),
        Some(vskey(
            ".keyb",
            Value::Text("valb1".to_owned()),
            Some("id1"),
            Some("id3")
        ))
    );
    assert_eq!(
        scan.next(),
        Some(vskey(
            ".keyb",
            Value::Text("valb2".to_owned()),
            Some("id3"),
            Some("id3")
        ))
    );
    assert_eq!(scan.next(), None);

    //inclusive range. (like equal)
    let range = (KeyBound::Included(ikey(".keya")), KeyBound::Included(ikey(".keya")));
    let mut scan = backend.key_scan(&range.0, &range.1).unwrap().into_iter();
    assert_eq!(scan.next(), Some(fskey(".keya", Some("id1"), Some("id3"))));
    assert_eq!(scan.next(), None);

    //Field index scan range. (only field indexes)
    let range = (KeyBound::Unbounded, KeyBound::Excluded(vkey("", Value::Bottom)));
    let mut scan = backend.key_scan(&range.0, &range.1).unwrap().into_iter();
    assert_eq!(scan.next(), Some(fskey(".", Some("id1"), Some("id3"))));
    assert_eq!(scan.next(), Some(fskey(".keya", Some("id1"), Some("id3"))));
    assert_eq!(scan.next(), Some(fskey(".keyb", Some("id1"), Some("id3"))));
    assert_eq!(scan.next(), Some(fskey(".keyc", Some("id1"), Some("id1"))));
    assert_eq!(
        scan.next(),
        Some(fskey(".keyc.keyca", Some("id1"), Some("id1")))
    );
    assert_eq!(
        scan.next(),
        Some(fskey(".keyc.keycb", Some("id1"), Some("id1")))
    );
    assert_eq!(
        scan.next(),
        Some(fskey(".keyc.keycc", Some("id1"), Some("id1")))
    );
    assert_eq!(
        scan.next(),
        Some(fskey(".keyc.keycd", Some("id1"), Some("id1")))
    );
    assert_eq!(scan.next(), None);

    //Value index scan range. (only value indexes)
    let range = (KeyBound::Included(vkey("", Value::Bottom)), KeyBound::Unbounded);
    let mut scan = backend.key_scan(&range.0, &range.1).unwrap().into_iter();
    assert_eq!(
        scan.next(),
        Some(vskey(
            ".keya",
            Value::Boolean(true),
            Some("id1"),
            Some("id3")
        ))
    );
    assert_eq!(
        scan.next(),
        Some(vskey(
            ".keyb",
            Value::Text("valb1".to_owned()),
            Some("id1"),
            Some("id3")
        ))
    );
    assert_eq!(
        scan.next(),
        Some(vskey(
            ".keyb",
            Value::Text("valb2".to_owned()),
            Some("id3"),
            Some("id3")
        ))
    );
    assert_eq!(
        scan.next(),
        Some(vskey(
            ".keyc.keyca",
            Value::Rational(Rational::from_i64(1)),
            Some("id1"),
            Some("id1")
        ))
    );
    assert_eq!(
        scan.next(),
        Some(vskey(
            ".keyc.keycb",
            Value::Text("a".to_owned()),
            Some("id1"),
            Some("id1")
        ))
    );
    assert_eq!(
        scan.next(),
        Some(vskey(
            ".keyc.keycb",
            Value::Text("b".to_owned()),
            Some("id1"),
            Some("id1")
        ))
    );
    assert_eq!(
        scan.next(),
        Some(vskey(
            ".keyc.keycc",
            Value::Rational(Rational::from_i64(2)),
            Some("id1"),
            Some("id1")
        ))
    );
    assert_eq!(
        scan.next(),
        Some(vskey(
            ".keyc.keycd",
            Value::Text("c".to_owned()),
            Some("id1"),
            Some("id1")
        ))
    );
    assert_eq!(
        scan.next(),
        Some(vskey(
            ".keyc.keycd",
            Value::Text("d".to_owned()),
            Some("id1"),
            Some("id1")
        ))
    );
    assert_eq!(scan.next(), None);

    //Full scan range. (everybody, including values)
    let range = (KeyBound::Unbounded, KeyBound::Unbounded);
    let mut scan = backend.key_scan(&range.0, &range.1).unwrap().into_iter();
    assert_eq!(scan.next(), Some(fskey(".", Some("id1"), Some("id3"))));
    assert_eq!(scan.next(), Some(fskey(".keya", Some("id1"), Some("id3"))));
    assert_eq!(scan.next(), Some(fskey(".keyb", Some("id1"), Some("id3"))));
    assert_eq!(scan.next(), Some(fskey(".keyc", Some("id1"), Some("id1"))));
    assert_eq!(
        scan.next(),
        Some(fskey(".keyc.keyca", Some("id1"), Some("id1")))
    );
    assert_eq!(
        scan.next(),
        Some(fskey(".keyc.keycb", Some("id1"), Some("id1")))
    );
    assert_eq!(
        scan.next(),
        Some(fskey(".keyc.keycc", Some("id1"), Some("id1")))
    );
    assert_eq!(
        scan.next(),
        Some(fskey(".keyc.keycd", Some("id1"), Some("id1")))
    );
    assert_eq!(
        scan.next(),
        Some(vskey(
            ".keya",
            Value::Boolean(true),
            Some("id1"),
            Some("id3")
        ))
    );
    assert_eq!(
        scan.next(),
        Some(vskey(
            ".keyb",
            Value::Text("valb1".to_owned()),
            Some("id1"),
            Some("id3")
        ))
    );
    assert_eq!(
        scan.next(),
        Some(vskey(
            ".keyb",
            Value::Text("valb2".to_owned()),
            Some("id3"),
            Some("id3")
        ))
    );
    assert_eq!(
        scan.next(),
        Some(vskey(
            ".keyc.keyca",
            Value::Rational(Rational::from_i64(1)),
            Some("id1"),
            Some("id1")
        ))
    );
    assert_eq!(
        scan.next(),
        Some(vskey(
            ".keyc.keycb",
            Value::Text("a".to_owned()),
            Some("id1"),
            Some("id1")
        ))
    );
    assert_eq!(
        scan.next(),
        Some(vskey(
            ".keyc.keycb",
            Value::Text("b".to_owned()),
            Some("id1"),
            Some("id1")
        ))
    );
    assert_eq!(
        scan.next(),
        Some(vskey(
            ".keyc.keycc",
            Value::Rational(Rational::from_i64(2)),
            Some("id1"),
            Some("id1")
        ))
    );
    assert_eq!(
        scan.next(),
        Some(vskey(
            ".keyc.keycd",
            Value::Text("c".to_owned()),
            Some("id1"),
            Some("id1")
        ))
    );
    assert_eq!(
        scan.next(),
        Some(vskey(
            ".keyc.keycd",
            Value::Text("d".to_owned()),
            Some("id1"),
            Some("id1")
        ))
    );

    assert_eq!(scan.next(), None);
}

#[test]
fn delete_of_missing_key_fails() {
    let mut backend = LLRBBackend::new();
    let k = IndexKey::FieldKey { field: ".a".to_owned() };
    let v = IndexValue::IDStrValue("x".to_owned());
    let batch = Batch::from_items(vec![BatchOp::Del(k, v)]);
    assert!(backend.update(&batch).is_err());
    assert!(backend.is_empty());
}

#[test]
fn value_scan_in_range() {
    let mut backend = LLRBBackend::new();
    let k = IndexKey::FieldKey { field: ".a".to_owned() };
    let ids = ["a", "b", "c", "d"];
    let items = ids
        .iter()
        .map(|i| BatchOp::Add(k.clone(), IndexValue::IDStrValue(i.to_string())))
        .collect();
    backend.update(&Batch::from_items(items)).unwrap();
    let got = backend
        .value_scan(
            &k,
            &ValueBound::Excluded(IndexValue::IDStrValue("a".to_owned())),
            &ValueBound::Included(IndexValue::IDStrValue("c".to_owned())),
        )
        .unwrap();
    assert_eq!(got, vec![IndexValue::IDStrValue("b".to_owned()), IndexValue::IDStrValue("c".to_owned())]);
    let other = IndexKey::FieldKey { field: ".b".to_owned() };
    assert!(backend.value_scan(&other, &ValueBound::Unbounded, &ValueBound::Unbounded).is_err());
}

#[test]
fn add_then_delete_restores() {
    let mut backend = LLRBBackend::new();
    let k = IndexKey::ValueKey { field: ".n".to_owned(), value: Value::Integral(3) };
    let v = IndexValue::IDIntValue(7);
    backend.update(&Batch::from_items(vec![BatchOp::Add(k.clone(), v.clone())])).unwrap();
    assert_eq!(backend.len(), 1);
    let scan = backend.key_scan(&KeyBound::Unbounded, &KeyBound::Unbounded).unwrap();
    assert_eq!(
        scan,
        vec![KeyScanItem {
            key: IndexKey::ValueKey { field: ".n".to_owned(), value: Value::Rational(Rational::from_i64(3)) },
            min: v.clone(),
            max: v.clone(),
        }]
    );
    backend.update(&Batch::from_items(vec![BatchOp::Del(k, v)])).unwrap();
    assert!(backend.is_empty());
}
